use vstd::prelude::*;

use crate::errors::CasbinError;
use crate::model::AssertionV;
use crate::model::Model;
use crate::model::contains_row;
use crate::model::find_spec;
use crate::model::model_wf;
use crate::strings::is_ws;
use crate::strings::join_commas;
use crate::strings::lemma_split_join;
use crate::strings::lemma_trim_front_skip;
use crate::strings::lemma_trim_back_skip;
use crate::strings::lemma_trimmed_id;
use crate::strings::lemma_split_at_first_comma;
use crate::strings::split_trim_str;
use crate::strings::split_trimmed;
use crate::strings::split_commas;
use crate::strings::trimmed;

verus! {

/// The adapter over one flat policy file: it only remembers the path;
/// reading and writing the file itself is the caller's business, the
/// line format below is this module's.
pub struct FileAdapter {
    pub file_path: String,
}

impl FileAdapter {
    pub fn new(path: &str) -> (r: FileAdapter)
        ensures
            r.file_path@ == path@,
    {
        FileAdapter { file_path: path.to_owned() }
    }
}

/// The fields one line of policy text denotes: nothing for a blank
/// line or a `#` comment, else the comma-separated fields, trimmed.
pub open spec fn parse_line(line: Seq<char>) -> Option<Seq<Seq<char>>> {
    if line.len() == 0 || line[0] == '#' {
        None
    } else {
        Some(split_trimmed(line))
    }
}

/// The model after one policy row lands under (`sec`, `key`): missing
/// entry, wrong arity and duplicate rows all leave it unchanged.
pub open spec fn added_policy(
    pre: Seq<AssertionV>,
    sec: Seq<char>,
    key: Seq<char>,
    row: Seq<Seq<char>>,
) -> Seq<AssertionV> {
    match find_spec(pre, sec, key) {
        None => pre,
        Some(i) => {
            if row.len() != pre[i].tokens.len() || contains_row(pre[i].policy, row) {
                pre
            } else {
                pre.update(i, AssertionV { policy: pre[i].policy.push(row), ..pre[i] })
            }
        },
    }
}

/// The model after reading one line: the first field names the policy
/// type, its first character the section, and the remaining fields are
/// the row.
pub open spec fn load_line_spec(pre: Seq<AssertionV>, line: Seq<char>) -> Seq<AssertionV> {
    match parse_line(line) {
        None => pre,
        Some(fields) => {
            if fields[0].len() == 0 {
                pre
            } else {
                added_policy(pre, seq![fields[0][0]], fields[0], fields.drop_first())
            }
        },
    }
}

/// Reads one line of the line-oriented policy format into the model:
/// blank lines and `#` comments are skipped, fields are split on
/// commas and trimmed, duplicate rows are suppressed, and a row whose
/// type is unknown to the model or whose arity does not match the
/// type's tokens is ignored.
pub fn load_policy_line(line: String, m: &mut Model)
    ensures
        final(m)@ == load_line_spec(old(m)@, line@),
        model_wf(old(m)@) ==> model_wf(final(m)@),
{
    let n = line.as_str().unicode_len();
    if n == 0 {
        return ;
    }
    if line.as_str().get_char(0) == '#' {
        return ;
    }
    let fields = split_trim_str(line.as_str());
    proof {
        crate::strings::lemma_split_commas_len(line@);
        assert(fields.deep_view().len() >= 1);
        assert(fields.deep_view()[0] == fields@[0]@);
    }
    let key = &fields[0];
    if key.unicode_len() == 0 {
        return ;
    }
    let sec = key.as_str().substring_char(0, 1).to_owned();
    proof {
        assert(sec@ =~= seq![fields.deep_view()[0][0]]);
    }
    let mut rule: Vec<String> = Vec::new();
    let mut k: usize = 1;
    while k < fields.len()
        invariant
            1 <= k <= fields@.len(),
            rule@.len() == k - 1,
            forall|q: int| 0 <= q < k - 1 ==> rule@[q]@ == fields.deep_view()[q + 1],
        decreases fields@.len() - k,
    {
        rule.push(fields[k].clone());
        k += 1;
    }
    proof {
        assert(rule.deep_view() =~= fields.deep_view().drop_first());
    }
    let _ = m.add_policy(sec.as_str(), key.as_str(), rule);
}

/// The text of one stored row: its type, a comma and a space, the
/// fields joined by bare commas, and a newline.
pub open spec fn render_row(key: Seq<char>, row: Seq<Seq<char>>) -> Seq<char> {
    key + ", "@ + join_commas(row) + "\n"@
}

pub open spec fn render_rows(key: Seq<char>, rows: Seq<Seq<Seq<char>>>) -> Seq<char>
    decreases rows.len(),
{
    if rows.len() == 0 {
        Seq::<char>::empty()
    } else {
        render_row(key, rows[0]) + render_rows(key, rows.drop_first())
    }
}

/// The lines of every entry of one section, in model order.
pub open spec fn render_section(mv: Seq<AssertionV>, sec: Seq<char>) -> Seq<char>
    decreases mv.len(),
{
    if mv.len() == 0 {
        Seq::<char>::empty()
    } else {
        (if mv[0].sec == sec {
            render_rows(mv[0].key, mv[0].policy)
        } else {
            Seq::<char>::empty()
        }) + render_section(mv.drop_first(), sec)
    }
}

/// The whole snapshot: the policy section's rows, then the grouping
/// section's rows.
pub open spec fn save_text_spec(mv: Seq<AssertionV>) -> Seq<char> {
    render_section(mv, "p"@) + render_section(mv, "g"@)
}

/// Appends `key, f1,f2,...` and a newline for one row.
#[verifier::loop_isolation(false)]
fn append_row(out: &mut String, key: &str, row: &Vec<String>)
    ensures
        final(out)@ == old(out)@ + render_row(key@, row.deep_view()),
{
    out.append(key);
    out.append(", ");
    let n = row.len();
    let mut k: usize = 0;
    while k < n
        invariant
            0 <= k <= n,
            n == row@.len(),
            out@ == old(out)@ + key@ + ", "@ + join_commas(row.deep_view().subrange(0, k as int)),
        decreases n - k,
    {
        proof {
            crate::strings::lemma_join_push(
                row.deep_view().subrange(0, k as int),
                row.deep_view()[k as int],
            );
            assert(row.deep_view().subrange(0, k as int).push(row.deep_view()[k as int])
                =~= row.deep_view().subrange(0, k + 1));
            assert(row.deep_view()[k as int] == row@[k as int]@);
        }
        if k > 0 {
            out.append(",");
            proof {
                reveal_strlit(",");
                assert(","@ =~= seq![',']);
            }
        }
        out.append(row[k].as_str());
        k += 1;
    }
    out.append("\n");
    proof {
        assert(row.deep_view().subrange(0, n as int) =~= row.deep_view());
    }
}

/// Serializes the model's policy rows back to the line-oriented text:
/// every row of the `p` section, then every row of the `g` section, in
/// stored order, one `type, field,field` line each.
#[verifier::loop_isolation(false)]
pub fn save_policy_to_text(m: &Model) -> (r: String)
    ensures
        r@ == save_text_spec(m@),
{
    let mut out = String::new();
    append_section(&mut out, m, "p");
    append_section(&mut out, m, "g");
    out
}

/// Appends every line of one section.
#[verifier::loop_isolation(false)]
fn append_section(out: &mut String, m: &Model, sec: &str)
    ensures
        final(out)@ == old(out)@ + render_section(m@, sec@),
{
    let n = m.assertions.len();
    let mut i: usize = 0;
    proof {
        assert(m@.subrange(0, n as int) =~= m@);
    }
    while i < n
        invariant
            0 <= i <= n,
            n == m@.len(),
            out@ + render_section(m@.subrange(i as int, n as int), sec@) == old(out)@
                + render_section(m@, sec@),
        decreases n - i,
    {
        let a = &m.assertions[i];
        proof {
            assert(m@.subrange(i as int, n as int).drop_first() =~= m@.subrange(i + 1, n as int));
            assert(m@.subrange(i as int, n as int)[0] == m@[i as int]);
        }
        if crate::strings::str_eq(a.sec.as_str(), sec) {
            let rows = &a.policy;
            let nr = rows.len();
            let mut j: usize = 0;
            proof {
                assert(rows.deep_view() == m@[i as int].policy);
                assert(rows.deep_view().subrange(0, rows.deep_view().len() as int)
                    =~= rows.deep_view());
                assert(out@ + render_rows(m@[i as int].key, rows.deep_view())
                    + render_section(m@.subrange(i + 1, n as int), sec@) =~= out@ + (
                render_rows(m@[i as int].key, rows.deep_view()) + render_section(
                    m@.subrange(i + 1, n as int),
                    sec@,
                )));
            }
            while j < nr
                invariant
                    0 <= j <= nr,
                    nr == rows.deep_view().len(),
                    out@ + render_rows(m@[i as int].key, rows.deep_view().subrange(
                        j as int,
                        nr as int,
                    )) + render_section(m@.subrange(i + 1, n as int), sec@) == old(out)@
                        + render_section(m@, sec@),
                decreases nr - j,
            {
                proof {
                    assert(rows.deep_view().subrange(j as int, nr as int).drop_first()
                        =~= rows.deep_view().subrange(j + 1, nr as int));
                    assert(rows.deep_view().subrange(j as int, nr as int)[0] == rows.deep_view()[
                        j as int
                    ]);
                    assert(rows.deep_view()[j as int] == rows@[j as int].deep_view());
                }
                let ghost prev_out = out@;
                append_row(out, a.key.as_str(), &rows[j]);
                proof {
                    assert(out@ + render_rows(m@[i as int].key, rows.deep_view().subrange(
                        j + 1,
                        nr as int,
                    )) + render_section(m@.subrange(i + 1, n as int), sec@) =~= prev_out
                        + render_rows(m@[i as int].key, rows.deep_view().subrange(
                        j as int,
                        nr as int,
                    )) + render_section(m@.subrange(i + 1, n as int), sec@));
                }
                j += 1;
            }
            proof {
                assert(rows.deep_view().subrange(nr as int, nr as int)
                    =~= Seq::<Seq<Seq<char>>>::empty());
                assert(out@ + render_rows(m@[i as int].key, rows.deep_view().subrange(
                    nr as int,
                    nr as int,
                )) + render_section(m@.subrange(i + 1, n as int), sec@) =~= out@
                    + render_section(m@.subrange(i + 1, n as int), sec@));
            }
        } else {
            proof {
                assert(Seq::<char>::empty() + render_section(m@.subrange(i + 1, n as int), sec@)
                    =~= render_section(m@.subrange(i + 1, n as int), sec@));
            }
        }
        i += 1;
    }
    proof {
        assert(m@.subrange(n as int, n as int) =~= Seq::<AssertionV>::empty());
        assert(out@ + render_section(m@.subrange(n as int, n as int), sec@) =~= out@);
    }
}

/// The snapshot to write, or the error when no backing location is
/// configured: the decision `save_policy` makes before any file is
/// touched, so that the caller only performs the write itself.
pub fn save_policy_text(a: &FileAdapter, m: &Model) -> (r: Result<String, CasbinError>)
    ensures
        match r {
            Ok(t) => a.file_path@.len() != 0 && t@ == save_text_spec(m@),
            Err(e) => a.file_path@.len() == 0 && e is Error && e->Error_0@
                == "save policy failed, file path is empty"@,
        },
{
    if a.file_path.as_str().unicode_len() == 0 {
        return Err(CasbinError::Error("save policy failed, file path is empty"));
    }
    Ok(save_policy_to_text(m))
}

/// A field that survives the text round trip: it holds no comma and no
/// newline, and neither starts nor ends with whitespace, so splitting
/// and trimming give it back unchanged.
pub open spec fn field_wf(f: Seq<char>) -> bool {
    &&& forall|k: int| 0 <= k < f.len() ==> f[k] != ',' && f[k] != '\n'
    &&& f.len() == 0 || (!is_ws(f[0]) && !is_ws(f[f.len() - 1]))
}

/// The round trip of one row: rendering `key, f1,...,fn` and reading
/// the line back yields exactly the type and the fields, provided the
/// type is a nonempty non-comment well-formed field and every field is
/// well formed and the row nonempty.
pub proof fn lemma_line_round_trip(key: Seq<char>, row: Seq<Seq<char>>)
    requires
        key.len() > 0,
        key[0] != '#',
        field_wf(key),
        row.len() >= 1,
        forall|j: int| 0 <= j < row.len() ==> field_wf(#[trigger] row[j]),
    ensures
        parse_line(key + ", "@ + join_commas(row)) == Some(seq![key] + row),
{
    reveal_strlit(", ");
    assert(", "@ =~= seq![',', ' ']);
    let line = key + ", "@ + join_commas(row);
    let joined = join_commas(row);
    assert(line.len() == key.len() + 2 + joined.len());
    assert forall|k: int| 0 <= k < key.len() implies line[k] != ',' by {
        assert(line[k] == key[k]);
    }
    assert(line[key.len() as int] == ',');
    lemma_split_at_first_comma(line, key.len() as int);
    assert(line.subrange(0, key.len() as int) =~= key);
    assert(line.subrange(key.len() as int + 1, line.len() as int) =~= seq![' '] + joined);
    assert forall|j: int, k: int|
        0 <= j < row.len() && 0 <= k < row[j].len() implies #[trigger] row[j][k] != ',' by {
        assert(field_wf(row[j]));
    }
    lemma_split_join(row);
    let tail = seq![' '] + joined;
    assert(tail[0] == ' ');
    assert(tail[0] != ',');
    assert(tail.drop_first() =~= joined);
    assert(split_commas(tail) == seq![seq![tail[0]] + split_commas(joined)[0]] + split_commas(
        joined,
    ).drop_first());
    assert(split_commas(joined) == row);
    assert(split_commas(joined)[0] == row[0]);
    assert(split_commas(line) =~= seq![key, seq![' '] + row[0]] + row.drop_first());
    assert(line[0] == key[0]);
    assert(line.len() > 0);
    // trimming gives each field back
    lemma_trimmed_id(key);
    let padded = seq![' '] + row[0];
    assert(padded[0] == ' ');
    if row[0].len() == 0 {
        lemma_trim_front_skip(padded, 1);
        assert(padded.subrange(1, padded.len() as int) =~= row[0]);
        lemma_trim_back_skip(row[0], 0);
        assert(row[0].subrange(0, 0) =~= row[0]);
        assert(trimmed(padded) == row[0]);
    } else {
        assert(field_wf(row[0]));
        assert(!is_ws(row[0][0]));
        assert(padded[1] == row[0][0]);
        lemma_trim_front_skip(padded, 1);
        assert(padded.subrange(1, padded.len() as int) =~= row[0]);
        lemma_trim_back_skip(row[0], row[0].len() as int);
        assert(row[0].subrange(0, row[0].len() as int) =~= row[0]);
        assert(trimmed(padded) == row[0]);
    }
    assert forall|j: int| 0 <= j < row.len() implies trimmed(#[trigger] row[j]) == row[j] by {
        lemma_trimmed_id(row[j]);
    }
    assert(split_trimmed(line) =~= seq![key] + row);
    assert(parse_line(line) == Some(seq![key] + row));
}

/// Rendering one stored row and reading the line back does to a model
/// exactly what adding that row under its type does: the saved text
/// reproduces the rows it came from, duplicates collapsing on the way
/// in.
pub proof fn lemma_loaded_line_adds_row(pre: Seq<AssertionV>, key: Seq<char>, row: Seq<Seq<char>>)
    requires
        key.len() > 0,
        key[0] != '#',
        field_wf(key),
        row.len() >= 1,
        forall|j: int| 0 <= j < row.len() ==> field_wf(#[trigger] row[j]),
    ensures
        load_line_spec(pre, key + ", "@ + join_commas(row)) == added_policy(
            pre,
            seq![key[0]],
            key,
            row,
        ),
{
    lemma_line_round_trip(key, row);
    let fields = seq![key] + row;
    assert(fields[0] == key);
    assert(fields.drop_first() =~= row);
}

} // verus!
