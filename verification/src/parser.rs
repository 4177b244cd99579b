//! The flat configuration table and the line parser that fills it.
//!
//! A [`SysctlConfig`] stores `key = value` pairs parsed from a
//! `sysctl.conf`-style text. Its mathematical view is a
//! `Map<Seq<char>, Seq<char>>`; the stored order of the pairs is exposed
//! through [`SysctlConfig::entries`] so that tree building stays
//! deterministic.

use vstd::prelude::*;

use crate::schema::{Schema, SchemaErrorV, errors_view, expected_errors, join_errors,
    lemma_join_errors_push};
use crate::text::{find_char, trim, str_eq, trim_region, find_char_in};
use crate::tree::{TreeNode, TreeV, build_tree, insert_into, subtrees_view};
use vstd::string::StringExecFns;

verus! {

/// An error of the configuration core: a malformed input line, or the
/// aggregate of all schema violations found in one validation pass.
#[derive(Debug)]
pub enum SysctlError {
    Parse { line: usize, message: String },
    MultipleValidationErrors { errors: String },
}

/// The diagnostic for a line without any `=`.
pub open spec fn msg_invalid_format() -> Seq<char> {
    "invalid format, expected 'key=value'"@
}

/// The diagnostic for a line whose key is empty after trimming.
pub open spec fn msg_empty_key() -> Seq<char> {
    "empty key not allowed"@
}

/// The view of a sequence of owned pairs.
pub open spec fn pairs_view(s: Seq<(String, String)>) -> Seq<(Seq<char>, Seq<char>)> {
    s.map_values(|p: (String, String)| (p.0@, p.1@))
}

/// No two pairs carry the same key.
pub open spec fn distinct_keys(es: Seq<(Seq<char>, Seq<char>)>) -> bool {
    forall|i: int, j: int| 0 <= i < j < es.len() ==> es[i].0 != es[j].0
}

/// The map held by an association list, later pairs overriding earlier ones.
pub open spec fn entries_map(es: Seq<(Seq<char>, Seq<char>)>) -> Map<Seq<char>, Seq<char>>
    decreases es.len(),
{
    if es.len() == 0 {
        Map::empty()
    } else {
        entries_map(es.drop_last()).insert(es.last().0, es.last().1)
    }
}

/// Writing `(k, v)` into an association list: the pair replaces the value
/// in place when the key is present, and is appended otherwise.
pub open spec fn upsert(
    es: Seq<(Seq<char>, Seq<char>)>,
    k: Seq<char>,
    v: Seq<char>,
) -> Seq<(Seq<char>, Seq<char>)>
    decreases es.len(),
{
    if es.len() == 0 {
        seq![(k, v)]
    } else if es[0].0 == k {
        seq![(k, v)] + es.drop_first()
    } else {
        seq![es[0]] + upsert(es.drop_first(), k, v)
    }
}

/// Writing a whole sequence of pairs into an association list, first to last.
pub open spec fn apply_upserts(
    es: Seq<(Seq<char>, Seq<char>)>,
    ps: Seq<(Seq<char>, Seq<char>)>,
) -> Seq<(Seq<char>, Seq<char>)>
    decreases ps.len(),
{
    if ps.len() == 0 {
        es
    } else {
        apply_upserts(upsert(es, ps[0].0, ps[0].1), ps.drop_first())
    }
}

/// Writing a whole sequence of pairs into a map, first to last.
pub open spec fn apply_entries(
    m: Map<Seq<char>, Seq<char>>,
    ps: Seq<(Seq<char>, Seq<char>)>,
) -> Map<Seq<char>, Seq<char>>
    decreases ps.len(),
{
    if ps.len() == 0 {
        m
    } else {
        apply_entries(m.insert(ps[0].0, ps[0].1), ps.drop_first())
    }
}

/// In an association list with distinct keys, each key maps to the value
/// stored beside it, the domain is exactly the key set, and the map has as
/// many entries as the list.
pub proof fn lemma_entries_map_props(es: Seq<(Seq<char>, Seq<char>)>)
    requires
        distinct_keys(es),
    ensures
        forall|k: Seq<char>|
            entries_map(es).contains_key(k) <==> exists|i: int| 0 <= i < es.len() && es[i].0 == k,
        forall|i: int| 0 <= i < es.len() ==> entries_map(es).contains_key(#[trigger] es[i].0)
            && entries_map(es)[es[i].0] == es[i].1,
        entries_map(es).dom().finite(),
        entries_map(es).len() == es.len(),
    decreases es.len(),
{
    broadcast use vstd::set::group_set_axioms, vstd::map::group_map_axioms;

    if es.len() == 0 {
        assert(entries_map(es) =~= Map::<Seq<char>, Seq<char>>::empty());
        assert forall|k: Seq<char>| entries_map(es).contains_key(k)
            implies exists|i: int| 0 <= i < es.len() && es[i].0 == k by {}
    } else {
        let head = es.drop_last();
        lemma_entries_map_props(head);
        assert forall|k: Seq<char>| entries_map(es).contains_key(k)
            implies exists|i: int| 0 <= i < es.len() && es[i].0 == k by {
            if k == es.last().0 {
                assert(es[es.len() - 1].0 == k);
            } else {
                let i = choose|i: int| 0 <= i < head.len() && head[i].0 == k;
                assert(es[i].0 == k);
            }
        }
        assert forall|i: int| 0 <= i < es.len() implies entries_map(es).contains_key(
            #[trigger] es[i].0,
        ) && entries_map(es)[es[i].0] == es[i].1 by {
            if i < es.len() - 1 {
                assert(head[i] == es[i]);
                assert(es[i].0 != es.last().0);
            }
        }
        assert(!entries_map(head).contains_key(es.last().0));
        vstd::set::axiom_set_insert_len(entries_map(head).dom(), es.last().0);
        assert(entries_map(es).dom() =~= entries_map(head).dom().insert(es.last().0));
    }
}

proof fn lemma_entries_map_update(es: Seq<(Seq<char>, Seq<char>)>, i: int, k: Seq<char>, v: Seq<char>)
    requires
        distinct_keys(es),
        0 <= i < es.len(),
        es[i].0 == k,
    ensures
        entries_map(es.update(i, (k, v))) == entries_map(es).insert(k, v),
    decreases es.len(),
{
    broadcast use vstd::set::group_set_axioms, vstd::map::group_map_axioms;

    let up = es.update(i, (k, v));
    if i == es.len() - 1 {
        assert(up.drop_last() =~= es.drop_last());
        assert(up.last() == (k, v));
        assert(entries_map(es.drop_last()).insert(k, es[i].1).insert(k, v) =~= entries_map(
            es.drop_last(),
        ).insert(k, v));
    } else {
        assert(up.drop_last() =~= es.drop_last().update(i, (k, v)));
        assert(up.last() == es.last());
        assert(es.drop_last()[i] == es[i]);
        lemma_entries_map_update(es.drop_last(), i, k, v);
        assert(k != es.last().0);
        assert(entries_map(es.drop_last()).insert(k, v).insert(es.last().0, es.last().1)
            =~= entries_map(es.drop_last()).insert(es.last().0, es.last().1).insert(k, v));
    }
}

proof fn lemma_entries_map_push(es: Seq<(Seq<char>, Seq<char>)>, k: Seq<char>, v: Seq<char>)
    ensures
        entries_map(es.push((k, v))) == entries_map(es).insert(k, v),
{
    assert(es.push((k, v)).drop_last() =~= es);
    assert(es.push((k, v)).last() == (k, v));
}

/// `upsert` hit: when the key sits at position `i`, the write updates that
/// position in place.
pub proof fn lemma_upsert_found(es: Seq<(Seq<char>, Seq<char>)>, k: Seq<char>, v: Seq<char>, i: int)
    requires
        distinct_keys(es),
        0 <= i < es.len(),
        es[i].0 == k,
    ensures
        upsert(es, k, v) == es.update(i, (k, v)),
    decreases es.len(),
{
    if i == 0 {
        assert(upsert(es, k, v) =~= es.update(0, (k, v)));
    } else {
        assert(es[0].0 != k);
        assert(es.drop_first()[i - 1] == es[i]);
        lemma_upsert_found(es.drop_first(), k, v, i - 1);
        assert(seq![es[0]] + es.drop_first().update(i - 1, (k, v)) =~= es.update(i, (k, v)));
    }
}

/// `upsert` miss: when the key is absent, the write appends the pair.
pub proof fn lemma_upsert_absent(es: Seq<(Seq<char>, Seq<char>)>, k: Seq<char>, v: Seq<char>)
    requires
        forall|i: int| 0 <= i < es.len() ==> es[i].0 != k,
    ensures
        upsert(es, k, v) == es.push((k, v)),
    decreases es.len(),
{
    if es.len() == 0 {
        assert(upsert(es, k, v) =~= es.push((k, v)));
    } else {
        assert(es[0].0 != k);
        assert forall|i: int| 0 <= i < es.drop_first().len() implies es.drop_first()[i].0 != k by {
            assert(es.drop_first()[i] == es[i + 1]);
        }
        lemma_upsert_absent(es.drop_first(), k, v);
        assert(seq![es[0]] + es.drop_first().push((k, v)) =~= es.push((k, v)));
    }
}

/// A write keeps keys distinct and acts on the map as a plain insert.
pub proof fn lemma_upsert_map(es: Seq<(Seq<char>, Seq<char>)>, k: Seq<char>, v: Seq<char>)
    requires
        distinct_keys(es),
    ensures
        distinct_keys(upsert(es, k, v)),
        entries_map(upsert(es, k, v)) == entries_map(es).insert(k, v),
{
    lemma_entries_map_props(es);
    if exists|i: int| 0 <= i < es.len() && es[i].0 == k {
        let i = choose|i: int| 0 <= i < es.len() && es[i].0 == k;
        lemma_upsert_found(es, k, v, i);
        lemma_entries_map_update(es, i, k, v);
        let up = es.update(i, (k, v));
        assert forall|a: int, b: int| 0 <= a < b < up.len() implies up[a].0 != up[b].0 by {
            assert(up[a].0 == es[a].0 && up[b].0 == es[b].0);
        }
    } else {
        lemma_upsert_absent(es, k, v);
        lemma_entries_map_push(es, k, v);
        let up = es.push((k, v));
        assert forall|a: int, b: int| 0 <= a < b < up.len() implies up[a].0 != up[b].0 by {
            if b < es.len() {
                assert(up[a].0 == es[a].0 && up[b].0 == es[b].0);
            } else {
                assert(up[a].0 == es[a].0 && up[b].0 == k);
            }
        }
    }
}

/// Appending one pair to a batch of writes.
pub proof fn lemma_apply_upserts_push(
    es: Seq<(Seq<char>, Seq<char>)>,
    ps: Seq<(Seq<char>, Seq<char>)>,
    p: (Seq<char>, Seq<char>),
)
    ensures
        apply_upserts(es, ps.push(p)) == upsert(apply_upserts(es, ps), p.0, p.1),
    decreases ps.len(),
{
    if ps.len() == 0 {
        assert(ps.push(p)[0] == p);
        assert(ps.push(p).drop_first() =~= Seq::<(Seq<char>, Seq<char>)>::empty());
        assert(apply_upserts(es, ps.push(p)) == apply_upserts(
            upsert(es, p.0, p.1),
            Seq::<(Seq<char>, Seq<char>)>::empty(),
        ));
        assert(apply_upserts(es, ps) == es);
    } else {
        assert(ps.push(p)[0] == ps[0]);
        assert(ps.push(p).drop_first() =~= ps.drop_first().push(p));
        lemma_apply_upserts_push(upsert(es, ps[0].0, ps[0].1), ps.drop_first(), p);
        assert(apply_upserts(es, ps.push(p)) == apply_upserts(
            upsert(es, ps[0].0, ps[0].1),
            ps.drop_first().push(p),
        ));
        assert(apply_upserts(es, ps) == apply_upserts(upsert(es, ps[0].0, ps[0].1), ps.drop_first()));
    }
}

/// Appending one pair to a batch of map inserts.
pub proof fn lemma_apply_entries_push(
    m: Map<Seq<char>, Seq<char>>,
    ps: Seq<(Seq<char>, Seq<char>)>,
    p: (Seq<char>, Seq<char>),
)
    ensures
        apply_entries(m, ps.push(p)) == apply_entries(m, ps).insert(p.0, p.1),
    decreases ps.len(),
{
    if ps.len() == 0 {
        assert(ps.push(p)[0] == p);
        assert(ps.push(p).drop_first() =~= Seq::<(Seq<char>, Seq<char>)>::empty());
        assert(apply_entries(m, ps.push(p)) == apply_entries(
            m.insert(p.0, p.1),
            Seq::<(Seq<char>, Seq<char>)>::empty(),
        ));
        assert(apply_entries(m, ps) == m);
    } else {
        assert(ps.push(p)[0] == ps[0]);
        assert(ps.push(p).drop_first() =~= ps.drop_first().push(p));
        lemma_apply_entries_push(m.insert(ps[0].0, ps[0].1), ps.drop_first(), p);
        assert(apply_entries(m, ps.push(p)) == apply_entries(
            m.insert(ps[0].0, ps[0].1),
            ps.drop_first().push(p),
        ));
        assert(apply_entries(m, ps) == apply_entries(m.insert(ps[0].0, ps[0].1), ps.drop_first()));
    }
}

/// Classification of one raw input line.
pub enum LineClass {
    Skip,
    Entry { key: Seq<char>, value: Seq<char> },
    NoEquals,
    EmptyKey,
}

/// A parse failure: the 1-indexed line number and the diagnostic.
pub struct ParseFailure {
    pub line: int,
    pub message: Seq<char>,
}

/// Whether a line produces nothing: empty after trimming, or a comment.
pub open spec fn is_skip_line(line: Seq<char>) -> bool {
    trim(line).len() == 0 || trim(line)[0] == '#'
}

/// What one line means: skipped, a `key = value` pair with both sides
/// trimmed, or one of the two line-level failures.
pub open spec fn classify_line(line: Seq<char>) -> LineClass {
    let t = trim(line);
    if t.len() == 0 || t[0] == '#' {
        LineClass::Skip
    } else {
        let e = find_char(t, '=');
        if e == t.len() {
            LineClass::NoEquals
        } else {
            let k = trim(t.take(e));
            let v = trim(t.skip(e + 1));
            if k.len() == 0 {
                LineClass::EmptyKey
            } else {
                LineClass::Entry { key: k, value: v }
            }
        }
    }
}

/// The lines of a text, split on `'\n'`, the final line delivered even
/// without a terminating newline.
pub open spec fn split_lines(s: Seq<char>) -> Seq<Seq<char>>
    decreases s.len(),
{
    if s.len() == 0 {
        Seq::empty()
    } else {
        let i = find_char(s, '\n');
        if 0 <= i < s.len() {
            seq![s.take(i)] + split_lines(s.skip(i + 1))
        } else {
            seq![s]
        }
    }
}

/// Parsing a sequence of lines, the first carrying number
/// `first_line_no`: either the pairs of every `key = value` line in order,
/// or the failure of the first malformed line.
pub open spec fn parse_lines(
    lines: Seq<Seq<char>>,
    first_line_no: int,
) -> Result<Seq<(Seq<char>, Seq<char>)>, ParseFailure>
    decreases lines.len(),
{
    if lines.len() == 0 {
        Ok(Seq::empty())
    } else {
        match classify_line(lines[0]) {
            LineClass::Skip => parse_lines(lines.drop_first(), first_line_no + 1),
            LineClass::Entry { key, value } => match parse_lines(
                lines.drop_first(),
                first_line_no + 1,
            ) {
                Ok(rest) => Ok(seq![(key, value)] + rest),
                Err(f) => Err(f),
            },
            LineClass::NoEquals => Err(
                ParseFailure { line: first_line_no, message: msg_invalid_format() },
            ),
            LineClass::EmptyKey => Err(
                ParseFailure { line: first_line_no, message: msg_empty_key() },
            ),
        }
    }
}

/// Parsing a whole text: its lines, numbered from 1.
pub open spec fn parse_text(s: Seq<char>) -> Result<Seq<(Seq<char>, Seq<char>)>, ParseFailure> {
    parse_lines(split_lines(s), 1)
}

/// Whether this raw line is skipped: blank, or a full-line comment.
fn should_skip_line(line: &str) -> (r: bool)
    ensures
        r == is_skip_line(line@),
{
    let n = line.unicode_len();
    let (a, b) = trim_region(line, 0, n);
    proof {
        assert(line@.subrange(0, n as int) =~= line@);
    }
    if a == b {
        true
    } else {
        line.get_char(a) == '#'
    }
}

/// Parses one raw line: `Ok(None)` for a skipped line, the trimmed pair
/// for a `key = value` line, and the tagged diagnostic otherwise.
fn parse_line(line: &str, line_number: usize) -> (r: Result<Option<(String, String)>, SysctlError>)
    ensures
        match classify_line(line@) {
            LineClass::Skip => r == Ok::<Option<(String, String)>, SysctlError>(None),
            LineClass::Entry { key, value } => (r matches Ok(Some(p)) && p.0@ == key && p.1@
                == value),
            LineClass::NoEquals => (r matches Err(SysctlError::Parse { line, message })
                && line == line_number && message@ == msg_invalid_format()),
            LineClass::EmptyKey => (r matches Err(SysctlError::Parse { line, message })
                && line == line_number && message@ == msg_empty_key()),
        },
{
    let ghost t = trim(line@);
    if should_skip_line(line) {
        return Ok(None);
    }
    let n = line.unicode_len();
    let (a, b) = trim_region(line, 0, n);
    proof {
        assert(line@.subrange(0, n as int) =~= line@);
        assert(a < b);
    }
    let e = find_char_in(line, a, b, '=');
    proof {
        assert(line@.subrange(a as int, b as int) == t);
        assert(find_char(t, '=') == e - a);
    }
    if e == b {
        return Err(
            SysctlError::Parse {
                line: line_number,
                message: "invalid format, expected 'key=value'".to_owned(),
            },
        );
    }
    proof {
        assert(t.take(e - a) =~= line@.subrange(a as int, e as int));
        assert(t.skip(e - a + 1) =~= line@.subrange(e + 1 as int, b as int));
    }
    let (ka, kb) = trim_region(line, a, e);
    if ka == kb {
        proof {
            assert(trim(t.take(e - a)).len() == 0);
        }
        return Err(
            SysctlError::Parse { line: line_number, message: "empty key not allowed".to_owned() },
        );
    }
    let (va, vb) = trim_region(line, e + 1, b);
    let key = line.substring_char(ka, kb).to_owned();
    let value = line.substring_char(va, vb).to_owned();
    proof {
        assert(key@ == trim(t.take(e - a)));
        assert(value@ == trim(t.skip(e - a + 1)));
    }
    Ok(Some((key, value)))
}

proof fn lemma_apply_entries_from_empty(ps: Seq<(Seq<char>, Seq<char>)>)
    ensures
        apply_entries(Map::empty(), ps) == entries_map(ps),
    decreases ps.len(),
{
    if ps.len() > 0 {
        lemma_apply_entries_from_empty(ps.drop_last());
        assert(ps.drop_last().push(ps.last()) =~= ps);
        lemma_apply_entries_push(Map::empty(), ps.drop_last(), ps.last());
    }
}

/// A batch of writes never touches a key that none of its pairs carries.
pub proof fn lemma_apply_entries_other_keys(
    m: Map<Seq<char>, Seq<char>>,
    ps: Seq<(Seq<char>, Seq<char>)>,
    k: Seq<char>,
)
    requires
        forall|j: int| 0 <= j < ps.len() ==> ps[j].0 != k,
    ensures
        apply_entries(m, ps).contains_key(k) == m.contains_key(k),
        m.contains_key(k) ==> apply_entries(m, ps)[k] == m[k],
    decreases ps.len(),
{
    broadcast use vstd::map::group_map_axioms;

    if ps.len() > 0 {
        assert(ps[0].0 != k);
        assert forall|j: int| 0 <= j < ps.drop_first().len() implies ps.drop_first()[j].0 != k by {
            assert(ps.drop_first()[j] == ps[j + 1]);
        }
        lemma_apply_entries_other_keys(m.insert(ps[0].0, ps[0].1), ps.drop_first(), k);
    }
}

/// A successfully parsed text with pairwise-distinct keys yields a table
/// with exactly one entry per pair.
pub proof fn lemma_parsed_table_size(text: Seq<char>, ps: Seq<(Seq<char>, Seq<char>)>)
    requires
        parse_text(text) == Ok::<Seq<(Seq<char>, Seq<char>)>, ParseFailure>(ps),
        distinct_keys(ps),
    ensures
        apply_entries(Map::empty(), ps).len() == ps.len(),
{
    lemma_apply_entries_from_empty(ps);
    lemma_entries_map_props(ps);
}

/// Last write wins: after a batch of writes, a key maps to the value of
/// its last occurrence in the batch, however often it was written before.
pub proof fn lemma_last_write_wins(
    m: Map<Seq<char>, Seq<char>>,
    ps: Seq<(Seq<char>, Seq<char>)>,
    i: int,
)
    requires
        0 <= i < ps.len(),
        forall|j: int| i < j < ps.len() ==> ps[j].0 != ps[i].0,
    ensures
        apply_entries(m, ps).contains_key(ps[i].0),
        apply_entries(m, ps)[ps[i].0] == ps[i].1,
    decreases ps.len(),
{
    broadcast use vstd::map::group_map_axioms;

    if i == 0 {
        assert forall|j: int| 0 <= j < ps.drop_first().len() implies ps.drop_first()[j].0
            != ps[0].0 by {
            assert(ps.drop_first()[j] == ps[j + 1]);
        }
        lemma_apply_entries_other_keys(m.insert(ps[0].0, ps[0].1), ps.drop_first(), ps[0].0);
    } else {
        assert forall|j: int| i - 1 < j < ps.drop_first().len() implies (#[trigger] ps.drop_first()[j]).0
            != ps.drop_first()[i - 1].0 by {
            assert(ps.drop_first()[j] == ps[j + 1]);
            assert(ps.drop_first()[i - 1] == ps[i]);
        }
        lemma_last_write_wins(m.insert(ps[0].0, ps[0].1), ps.drop_first(), i - 1);
        assert(ps.drop_first()[i - 1] == ps[i]);
    }
}

/// Blank and comment lines contribute nothing and never fail: a text of
/// skipped lines alone parses to the empty batch.
pub proof fn lemma_skip_lines_yield_nothing(lines: Seq<Seq<char>>, first_line_no: int)
    requires
        forall|i: int| 0 <= i < lines.len() ==> is_skip_line(#[trigger] lines[i]),
    ensures
        parse_lines(lines, first_line_no) == Ok::<Seq<(Seq<char>, Seq<char>)>, ParseFailure>(
            Seq::empty(),
        ),
    decreases lines.len(),
{
    if lines.len() > 0 {
        assert(is_skip_line(lines[0]));
        assert(classify_line(lines[0]) is Skip);
        assert forall|i: int| 0 <= i < lines.drop_first().len() implies is_skip_line(
            #[trigger] lines.drop_first()[i],
        ) by {
            assert(lines.drop_first()[i] == lines[i + 1]);
        }
        lemma_skip_lines_yield_nothing(lines.drop_first(), first_line_no + 1);
    }
}

/// The flat key/value table parsed from a configuration text.
#[derive(Debug, Clone)]
pub struct SysctlConfig {
    settings: Vec<(String, String)>,
}

impl View for SysctlConfig {
    type V = Map<Seq<char>, Seq<char>>;

    open spec fn view(&self) -> Map<Seq<char>, Seq<char>> {
        entries_map(self.entries())
    }
}

impl SysctlConfig {
    /// The stored pairs, in insertion order.
    pub closed spec fn entries(&self) -> Seq<(Seq<char>, Seq<char>)> {
        pairs_view(self.settings@)
    }

    /// Well-formedness: every key is stored at most once.
    pub open spec fn wf(&self) -> bool {
        distinct_keys(self.entries())
    }

    /// Creates an empty table.
    pub fn new() -> (r: Self)
        ensures
            r.wf(),
            r@ == Map::<Seq<char>, Seq<char>>::empty(),
            r.entries() == Seq::<(Seq<char>, Seq<char>)>::empty(),
    {
        let r = SysctlConfig { settings: Vec::new() };
        proof {
            assert(r.entries() =~= Seq::<(Seq<char>, Seq<char>)>::empty());
        }
        r
    }

    /// Stores `value` under `key`, overwriting any earlier value.
    #[verifier::loop_isolation(false)]
    pub fn set(&mut self, key: String, value: String)
        requires
            old(self).wf(),
        ensures
            final(self).wf(),
            final(self)@ == old(self)@.insert(key@, value@),
            final(self).entries() == upsert(old(self).entries(), key@, value@),
    {
        proof {
            lemma_upsert_map(self.entries(), key@, value@);
        }
        let n = self.settings.len();
        let mut i: usize = 0;
        while i < n
            invariant
                0 <= i <= n,
                n == self.settings.len(),
                *self == *old(self),
                forall|k: int| 0 <= k < i ==> self.entries()[k].0 != key@,
            decreases n - i,
        {
            if str_eq(self.settings[i].0.as_str(), key.as_str()) {
                proof {
                    assert(self.entries()[i as int].0 == key@);
                    lemma_upsert_found(self.entries(), key@, value@, i as int);
                }
                let ghost before = self.entries();
                self.settings.remove(i);
                self.settings.insert(i, (key, value));
                proof {
                    assert(self.entries() =~= before.update(i as int, (key@, value@)));
                }
                return ;
            }
            proof {
                assert(self.entries()[i as int].0 == self.settings@[i as int].0@);
            }
            i = i + 1;
        }
        proof {
            lemma_upsert_absent(self.entries(), key@, value@);
        }
        let ghost before = self.entries();
        self.settings.push((key, value));
        proof {
            assert(self.entries() =~= before.push((key@, value@)));
        }
    }

    /// Parses a whole configuration text and stores every `key = value`
    /// pair, later lines overriding earlier ones. On the first malformed
    /// line the parse fails with that line's 1-indexed number and leaves
    /// the table exactly as it was.
    #[verifier::loop_isolation(false)]
    pub fn parse(&mut self, input: &str) -> (r: Result<(), SysctlError>)
        requires
            old(self).wf(),
        ensures
            final(self).wf(),
            match parse_text(input@) {
                Ok(ps) => r is Ok && final(self).entries() == apply_upserts(
                    old(self).entries(),
                    ps,
                ) && final(self)@ == apply_entries(old(self)@, ps),
                Err(f) => (r matches Err(SysctlError::Parse { line, message }) && line == f.line
                    && message@ == f.message) && *final(self) == *old(self),
            },
    {
        let n = input.unicode_len();
        let mut entries: Vec<(String, String)> = Vec::new();
        let mut pos: usize = 0;
        let mut line_no: usize = 0;
        proof {
            assert(input@.skip(0) =~= input@);
            assert(pairs_view(entries@) =~= Seq::<(Seq<char>, Seq<char>)>::empty());
        }
        while pos < n
            invariant
                n == input@.len(),
                pos <= n,
                line_no <= pos,
                *self == *old(self),
                parse_lines(split_lines(input@), 1) == (match parse_lines(
                    split_lines(input@.skip(pos as int)),
                    line_no as int + 1,
                ) {
                    Ok(rest) => Ok::<Seq<(Seq<char>, Seq<char>)>, ParseFailure>(
                        pairs_view(entries@) + rest,
                    ),
                    Err(f) => Err(f),
                }),
            decreases n - pos,
        {
            let j = find_char_in(input, pos, n, '\n');
            let line = input.substring_char(pos, j);
            let next_pos = if j < n {
                j + 1
            } else {
                n
            };
            let ghost rem = input@.skip(pos as int);
            let ghost tail = input@.skip(next_pos as int);
            proof {
                assert(rem =~= input@.subrange(pos as int, n as int));
                assert(find_char(rem, '\n') == j - pos);
                assert(line@ =~= rem.take(j - pos));
                if j < n {
                    assert(rem.skip(j - pos + 1) =~= tail);
                    assert(split_lines(rem) == seq![line@] + split_lines(tail));
                } else {
                    assert(line@ =~= rem);
                    assert(tail =~= Seq::<char>::empty());
                    assert(split_lines(tail) =~= Seq::<Seq<char>>::empty());
                    assert(split_lines(rem) == seq![line@]);
                    assert(seq![line@] =~= seq![line@] + split_lines(tail));
                }
                assert((seq![line@] + split_lines(tail))[0] == line@);
                assert((seq![line@] + split_lines(tail)).drop_first() =~= split_lines(tail));
            }
            match parse_line(line, line_no + 1) {
                Ok(Some(pair)) => {
                    let ghost before = pairs_view(entries@);
                    let ghost k = classify_line(line@)->Entry_key;
                    let ghost v = classify_line(line@)->Entry_value;
                    entries.push(pair);
                    proof {
                        assert(pairs_view(entries@) =~= before.push((k, v)));
                        if parse_lines(split_lines(tail), line_no as int + 2) is Ok {
                            let rest = parse_lines(
                                split_lines(tail),
                                line_no as int + 2,
                            )->Ok_0;
                            assert(before + (seq![(k, v)] + rest) =~= before.push((k, v)) + rest);
                        }
                    }
                }
                Ok(None) => {
                }
                Err(e) => {
                    return Err(e);
                }
            }
            pos = next_pos;
            line_no = line_no + 1;
        }
        proof {
            assert(input@.skip(n as int) =~= Seq::<char>::empty());
            assert(split_lines(Seq::<char>::empty()) =~= Seq::<Seq<char>>::empty());
            assert(parse_text(input@) == Ok::<Seq<(Seq<char>, Seq<char>)>, ParseFailure>(
                pairs_view(entries@) + Seq::<(Seq<char>, Seq<char>)>::empty(),
            ));
            assert(pairs_view(entries@) + Seq::<(Seq<char>, Seq<char>)>::empty() =~= pairs_view(
                entries@,
            ));
        }
        let ghost ps = pairs_view(entries@);
        let m = entries.len();
        let mut i: usize = 0;
        proof {
            assert(ps.take(0) =~= Seq::<(Seq<char>, Seq<char>)>::empty());
        }
        while i < m
            invariant
                m == entries.len(),
                i <= m,
                ps == pairs_view(entries@),
                self.wf(),
                self.entries() == apply_upserts(old(self).entries(), ps.take(i as int)),
                self@ == apply_entries(old(self)@, ps.take(i as int)),
            decreases m - i,
        {
            let p = &entries[i];
            let k = p.0.clone();
            let v = p.1.clone();
            proof {
                assert(ps[i as int] == (entries@[i as int].0@, entries@[i as int].1@));
            }
            self.set(k, v);
            proof {
                assert(ps.take(i as int + 1) =~= ps.take(i as int).push(ps[i as int]));
                lemma_apply_upserts_push(old(self).entries(), ps.take(i as int), ps[i as int]);
                lemma_apply_entries_push(old(self)@, ps.take(i as int), ps[i as int]);
            }
            i = i + 1;
        }
        proof {
            assert(ps.take(m as int) =~= ps);
        }
        Ok(())
    }

    /// Validates the table against a schema. On success there is no
    /// violation at all; otherwise the single reported failure joins the
    /// rendering of every violation with `"; "`.
    #[verifier::loop_isolation(false)]
    pub fn validate_with_schema(&self, schema: &Schema) -> (r: Result<(), SysctlError>)
        requires
            self.wf(),
        ensures
            match r {
                Ok(()) => expected_errors(schema.fields(), self@).len() == 0,
                Err(e) => expected_errors(schema.fields(), self@).len() > 0 && (e matches
                    SysctlError::MultipleValidationErrors { errors } && errors@ == join_errors(
                    expected_errors(schema.fields(), self@),
                )),
            },
    {
        match schema.validate(self) {
            Ok(()) => Ok(()),
            Err(errors) => {
                let ghost evs = errors_view(errors@);
                let n = errors.len();
                let mut msg = String::new();
                let mut i: usize = 0;
                proof {
                    assert(evs.take(0) =~= Seq::<SchemaErrorV>::empty());
                }
                while i < n
                    invariant
                        0 <= i <= n,
                        n == errors@.len(),
                        msg@ == join_errors(evs.take(i as int)),
                    decreases n - i,
                {
                    if i > 0 {
                        msg.append("; ");
                    }
                    let e = &errors[i];
                    let rendered = e.render();
                    msg.append(rendered.as_str());
                    proof {
                        assert(evs[i as int] == errors@[i as int]@);
                        assert(evs.take(i as int + 1) =~= evs.take(i as int).push(evs[i as int]));
                        lemma_join_errors_push(evs.take(i as int), evs[i as int]);
                    }
                    i = i + 1;
                }
                proof {
                    assert(evs.take(n as int) =~= evs);
                }
                Err(SysctlError::MultipleValidationErrors { errors: msg })
            },
        }
    }

    /// Builds the nested tree of the table: every key is split on `.` and
    /// written below the root object, in the table's stored order.
    #[verifier::loop_isolation(false)]
    pub fn to_tree(&self) -> (r: TreeNode)
        ensures
            r@ == TreeV::Object(build_tree(self.entries())),
    {
        let n = self.settings.len();
        let mut cs: Vec<(String, TreeNode)> = Vec::new();
        let mut i: usize = 0;
        proof {
            assert(subtrees_view(cs, 0) =~= Seq::<(Seq<char>, TreeV)>::empty());
            assert(self.entries().take(0) =~= Seq::<(Seq<char>, Seq<char>)>::empty());
        }
        while i < n
            invariant
                0 <= i <= n,
                n == self.settings.len(),
                subtrees_view(cs, 0) == build_tree(self.entries().take(i as int)),
            decreases n - i,
        {
            let p = &self.settings[i];
            let ghost ev = self.entries()[i as int];
            proof {
                assert(ev == (p.0@, p.1@));
                assert(self.entries().take(i as int + 1).drop_last() =~= self.entries().take(
                    i as int,
                ));
                assert(self.entries().take(i as int + 1).last() == ev);
                assert(p.0@.subrange(0, p.0@.len() as int) =~= p.0@);
            }
            cs = insert_into(cs, p.0.as_str(), 0, p.1.as_str());
            i = i + 1;
        }
        proof {
            assert(self.entries().take(n as int) =~= self.entries());
        }
        TreeNode::Object(cs)
    }

    /// Returns the value stored under `key`, if any.
    #[verifier::loop_isolation(false)]
    pub fn get(&self, key: &str) -> (r: Option<&String>)
        requires
            self.wf(),
        ensures
            match r {
                Some(v) => self@.contains_key(key@) && v@ == self@[key@],
                None => !self@.contains_key(key@),
            },
    {
        proof {
            lemma_entries_map_props(self.entries());
        }
        let n = self.settings.len();
        let mut i: usize = 0;
        while i < n
            invariant
                0 <= i <= n,
                n == self.settings.len(),
                forall|k: int| 0 <= k < i ==> self.entries()[k].0 != key@,
            decreases n - i,
        {
            if str_eq(self.settings[i].0.as_str(), key) {
                proof {
                    assert(self.entries()[i as int].0 == key@);
                    assert(self.entries()[i as int].1 == self.settings@[i as int].1@);
                }
                return Some(&self.settings[i].1);
            }
            proof {
                assert(self.entries()[i as int].0 == self.settings@[i as int].0@);
            }
            i = i + 1;
        }
        None
    }

    /// The number of stored pairs, equal to the size of the map view.
    pub fn len(&self) -> (r: usize)
        requires
            self.wf(),
        ensures
            r == self@.len(),
            r == self.entries().len(),
    {
        proof {
            lemma_entries_map_props(self.entries());
        }
        self.settings.len()
    }

    /// Whether the table holds no pair at all.
    pub fn is_empty(&self) -> (r: bool)
        requires
            self.wf(),
        ensures
            r == (self@.len() == 0),
    {
        proof {
            lemma_entries_map_props(self.entries());
        }
        self.settings.is_empty()
    }

    /// All keys, in stored order.
    #[verifier::loop_isolation(false)]
    pub fn keys(&self) -> (r: Vec<&String>)
        requires
            self.wf(),
        ensures
            r@.len() == self.entries().len(),
            forall|i: int| 0 <= i < r@.len() ==> r@[i]@ == self.entries()[i].0
                && self@.contains_key(r@[i]@),
    {
        proof {
            lemma_entries_map_props(self.entries());
        }
        let n = self.settings.len();
        let mut r: Vec<&String> = Vec::new();
        let mut i: usize = 0;
        while i < n
            invariant
                0 <= i <= n,
                n == self.settings.len(),
                r@.len() == i,
                forall|k: int| 0 <= k < i ==> r@[k]@ == self.entries()[k].0,
            decreases n - i,
        {
            r.push(&self.settings[i].0);
            i = i + 1;
        }
        r
    }

    /// All pairs, in stored order.
    #[verifier::loop_isolation(false)]
    pub fn iter(&self) -> (r: Vec<(String, String)>)
        requires
            self.wf(),
        ensures
            pairs_view(r@) == self.entries(),
    {
        let n = self.settings.len();
        let mut r: Vec<(String, String)> = Vec::new();
        let mut i: usize = 0;
        while i < n
            invariant
                0 <= i <= n,
                n == self.settings.len(),
                r@.len() == i,
                forall|k: int| 0 <= k < i ==> pairs_view(r@)[k] == self.entries()[k],
            decreases n - i,
        {
            let p = &self.settings[i];
            let pair = (p.0.clone(), p.1.clone());
            r.push(pair);
            i = i + 1;
        }
        proof {
            assert(pairs_view(r@) =~= self.entries());
        }
        r
    }
}

impl Default for SysctlConfig {
    fn default() -> (r: Self)
        ensures
            r.wf(),
            r@ == Map::<Seq<char>, Seq<char>>::empty(),
            r.entries() == Seq::<(Seq<char>, Seq<char>)>::empty(),
    {
        Self::new()
    }
}

} // verus!
