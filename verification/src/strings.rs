use vstd::prelude::*;

verus! {

/// ASCII whitespace, the characters stripped from the ends of a policy field.
pub open spec fn is_ws(c: char) -> bool {
    c == ' ' || c == '\t' || c == '\r' || c == '\n'
}

pub open spec fn trim_front(s: Seq<char>) -> Seq<char>
    decreases s.len(),
{
    if s.len() > 0 && is_ws(s[0]) {
        trim_front(s.drop_first())
    } else {
        s
    }
}

pub open spec fn trim_back(s: Seq<char>) -> Seq<char>
    decreases s.len(),
{
    if s.len() > 0 && is_ws(s[s.len() - 1]) {
        trim_back(s.drop_last())
    } else {
        s
    }
}

/// The field with whitespace stripped from both ends.
pub open spec fn trimmed(s: Seq<char>) -> Seq<char> {
    trim_back(trim_front(s))
}

/// Splitting a sequence at every comma; the result always has one more
/// element than the sequence has commas, so it is never empty.
pub open spec fn split_commas(s: Seq<char>) -> Seq<Seq<char>>
    decreases s.len(),
{
    if s.len() == 0 {
        seq![Seq::<char>::empty()]
    } else if s[0] == ',' {
        seq![Seq::<char>::empty()] + split_commas(s.drop_first())
    } else {
        let rest = split_commas(s.drop_first());
        seq![seq![s[0]] + rest[0]] + rest.drop_first()
    }
}

/// Splitting, then trimming each field: the shape of one line of policy text.
pub open spec fn split_trimmed(s: Seq<char>) -> Seq<Seq<char>> {
    split_commas(s).map_values(|f: Seq<char>| trimmed(f))
}

/// Fields joined with a single comma and no added spaces.
pub open spec fn join_commas(fields: Seq<Seq<char>>) -> Seq<char>
    decreases fields.len(),
{
    if fields.len() == 0 {
        Seq::<char>::empty()
    } else if fields.len() == 1 {
        fields[0]
    } else {
        fields[0] + seq![','] + join_commas(fields.drop_first())
    }
}

pub proof fn lemma_split_commas_len(s: Seq<char>)
    ensures
        split_commas(s).len() >= 1,
    decreases s.len(),
{
    if s.len() > 0 {
        lemma_split_commas_len(s.drop_first());
    }
}

/// When the first `i` characters are whitespace and the `i`-th is not,
/// trimming the front drops exactly those `i` characters.
pub proof fn lemma_trim_front_skip(s: Seq<char>, i: int)
    requires
        0 <= i <= s.len(),
        forall|k: int| 0 <= k < i ==> is_ws(s[k]),
        i == s.len() || !is_ws(s[i]),
    ensures
        trim_front(s) == s.subrange(i, s.len() as int),
    decreases i,
{
    if i == 0 {
        assert(s.subrange(0, s.len() as int) =~= s);
    } else {
        assert(is_ws(s[0]));
        lemma_trim_front_skip(s.drop_first(), i - 1);
        assert(s.drop_first().subrange(i - 1, s.len() - 1) =~= s.subrange(i, s.len() as int));
    }
}

/// The mirror image for the back end.
pub proof fn lemma_trim_back_skip(s: Seq<char>, j: int)
    requires
        0 <= j <= s.len(),
        forall|k: int| j <= k < s.len() ==> is_ws(s[k]),
        j == 0 || !is_ws(s[j - 1]),
    ensures
        trim_back(s) == s.subrange(0, j),
    decreases s.len() - j,
{
    if j == s.len() {
        if s.len() > 0 && is_ws(s[s.len() - 1]) {
            assert(!is_ws(s[j - 1]));
            assert(false);
        }
        assert(s.subrange(0, j) =~= s);
    } else {
        assert(is_ws(s[s.len() - 1]));
        lemma_trim_back_skip(s.drop_last(), j);
        assert(s.drop_last().subrange(0, j) =~= s.subrange(0, j));
    }
}

/// A field with no whitespace at either end trims to itself.
pub proof fn lemma_trimmed_id(s: Seq<char>)
    requires
        s.len() == 0 || (!is_ws(s[0]) && !is_ws(s[s.len() - 1])),
    ensures
        trimmed(s) == s,
{
    lemma_trim_front_skip(s, 0);
    assert(s.subrange(0, s.len() as int) =~= s);
    lemma_trim_back_skip(s, s.len() as int);
}

pub proof fn lemma_split_no_comma(s: Seq<char>)
    requires
        forall|k: int| 0 <= k < s.len() ==> s[k] != ',',
    ensures
        split_commas(s) == seq![s],
    decreases s.len(),
{
    if s.len() == 0 {
        assert(split_commas(s) =~~= seq![s]);
    } else {
        lemma_split_no_comma(s.drop_first());
        let rest = split_commas(s.drop_first());
        assert(rest[0] == s.drop_first());
        assert(seq![s[0]] + rest[0] =~= s);
        assert(split_commas(s) =~~= seq![s]);
    }
}

/// Splitting at the first comma separates the comma-free head field
/// from the split of the remainder.
pub proof fn lemma_split_at_first_comma(s: Seq<char>, i: int)
    requires
        0 <= i < s.len(),
        s[i] == ',',
        forall|k: int| 0 <= k < i ==> s[k] != ',',
    ensures
        split_commas(s) == seq![s.subrange(0, i)] + split_commas(s.subrange(i + 1, s.len() as int)),
    decreases i,
{
    if i == 0 {
        assert(s.subrange(0, 0) =~= Seq::<char>::empty());
        assert(s.subrange(1, s.len() as int) =~= s.drop_first());
    } else {
        let d = s.drop_first();
        lemma_split_at_first_comma(d, i - 1);
        lemma_split_commas_len(d.subrange(i, d.len() as int));
        let rest = split_commas(d);
        assert(d.subrange(0, i - 1) =~= s.subrange(1, i));
        assert(rest[0] == s.subrange(1, i));
        assert(seq![s[0]] + rest[0] =~= s.subrange(0, i));
        assert(d.subrange(i, d.len() as int) =~= s.subrange(i + 1, s.len() as int));
        assert(rest.drop_first() =~= split_commas(s.subrange(i + 1, s.len() as int)));
        assert(split_commas(s) =~= seq![s.subrange(0, i)] + split_commas(
            s.subrange(i + 1, s.len() as int),
        ));
    }
}

/// Whether `c` is whitespace, decided in executable code.
pub fn is_ws_exec(c: char) -> (r: bool)
    ensures
        r == is_ws(c),
{
    c == ' ' || c == '\t' || c == '\r' || c == '\n'
}

/// Character-for-character string equality.
pub fn str_eq(a: &str, b: &str) -> (r: bool)
    ensures
        r == (a@ == b@),
{
    let na = a.unicode_len();
    let nb = b.unicode_len();
    if na != nb {
        return false;
    }
    let mut i: usize = 0;
    while i < na
        invariant
            na == a@.len(),
            na == b@.len(),
            0 <= i <= na,
            forall|k: int| 0 <= k < i ==> a@[k] == b@[k],
        decreases na - i,
    {
        if a.get_char(i) != b.get_char(i) {
            return false;
        }
        i += 1;
    }
    proof {
        assert(a@ =~= b@);
    }
    true
}

/// The string with whitespace stripped from both ends.
pub fn trim_str(s: &str) -> (r: String)
    ensures
        r@ == trimmed(s@),
{
    let n = s.unicode_len();
    let mut i: usize = 0;
    while i < n && is_ws_exec(s.get_char(i))
        invariant
            n == s@.len(),
            0 <= i <= n,
            forall|k: int| 0 <= k < i ==> is_ws(s@[k]),
        decreases n - i,
    {
        i += 1;
    }
    let mut j: usize = n;
    while j > i && is_ws_exec(s.get_char(j - 1))
        invariant
            n == s@.len(),
            0 <= i <= j <= n,
            forall|k: int| j <= k < n ==> is_ws(s@[k]),
        decreases j,
    {
        j -= 1;
    }
    proof {
        lemma_trim_front_skip(s@, i as int);
        let front = s@.subrange(i as int, n as int);
        lemma_trim_back_skip(front, j - i);
        assert(front.subrange(0, j - i) =~= s@.subrange(i as int, j as int));
    }
    s.substring_char(i, j).to_owned()
}

/// The fields of `s` split at every comma, in order.
pub fn split_commas_str(s: &str) -> (r: Vec<String>)
    ensures
        r.deep_view() == split_commas(s@),
    decreases s@.len(),
{
    let n = s.unicode_len();
    let mut i: usize = 0;
    while i < n && s.get_char(i) != ','
        invariant
            n == s@.len(),
            0 <= i <= n,
            forall|k: int| 0 <= k < i ==> s@[k] != ',',
        decreases n - i,
    {
        i += 1;
    }
    if i == n {
        proof {
            lemma_split_no_comma(s@);
        }
        let mut out: Vec<String> = Vec::new();
        out.push(s.to_owned());
        proof {
            assert(out.deep_view() =~= split_commas(s@));
        }
        out
    } else {
        proof {
            lemma_split_at_first_comma(s@, i as int);
        }
        let head = s.substring_char(0, i).to_owned();
        let tail = s.substring_char(i + 1, n);
        let mut out = split_commas_str(tail);
        out.insert(0, head);
        proof {
            assert(out.deep_view() =~~= split_commas(s@));
        }
        out
    }
}

/// The fields of `s` split at every comma, each trimmed of surrounding
/// whitespace: the shape in which one line of policy text is read.
pub fn split_trim_str(s: &str) -> (r: Vec<String>)
    ensures
        r.deep_view() == split_trimmed(s@),
{
    let raw = split_commas_str(s);
    let mut out: Vec<String> = Vec::new();
    let mut k: usize = 0;
    while k < raw.len()
        invariant
            0 <= k <= raw.len(),
            raw.deep_view() == split_commas(s@),
            out@.len() == k,
            forall|j: int| 0 <= j < k ==> out@[j]@ == trimmed(split_commas(s@)[j]),
        decreases raw.len() - k,
    {
        let t = trim_str(raw[k].as_str());
        proof {
            assert(raw.deep_view()[k as int] == raw@[k as int]@);
        }
        out.push(t);
        k += 1;
    }
    proof {
        assert(out.deep_view() =~~= split_trimmed(s@));
    }
    out
}

/// Appending one field to a join: the first field stands alone, every
/// later one behind a comma.
pub proof fn lemma_join_push(fields: Seq<Seq<char>>, f: Seq<char>)
    ensures
        join_commas(fields.push(f)) == if fields.len() == 0 {
            f
        } else {
            join_commas(fields) + seq![','] + f
        },
    decreases fields.len(),
{
    if fields.len() == 0 {
        assert(fields.push(f)[0] == f);
    } else if fields.len() == 1 {
        assert(fields.push(f)[0] == fields[0]);
        let pd = fields.push(f).drop_first();
        assert(pd =~= fields.drop_first().push(f));
        assert(pd.len() == 1);
        assert(join_commas(pd) == pd[0]);
        assert(pd[0] == f);
        assert(join_commas(fields.push(f)) == fields[0] + seq![','] + join_commas(pd));
        assert(join_commas(fields) == fields[0]);
    } else {
        lemma_join_push(fields.drop_first(), f);
        assert(fields.push(f).drop_first() =~= fields.drop_first().push(f));
        assert(fields.push(f)[0] == fields[0]);
        assert(fields[0] + seq![','] + (join_commas(fields.drop_first()) + seq![','] + f) =~= (
        fields[0] + seq![','] + join_commas(fields.drop_first())) + seq![','] + f);
    }
}

/// Splitting undoes joining, when no field holds a comma.
pub proof fn lemma_split_join(row: Seq<Seq<char>>)
    requires
        row.len() >= 1,
        forall|j: int, k: int|
            0 <= j < row.len() && 0 <= k < row[j].len() ==> #[trigger] row[j][k] != ',',
    ensures
        split_commas(join_commas(row)) == row,
    decreases row.len(),
{
    if row.len() == 1 {
        lemma_split_no_comma(row[0]);
        assert(seq![row[0]] =~= row);
    } else {
        let s = join_commas(row);
        let head = row[0];
        let rest = join_commas(row.drop_first());
        assert(s == head + seq![','] + rest);
        assert(s.len() == head.len() + 1 + rest.len());
        assert forall|k: int| 0 <= k < head.len() implies s[k] != ',' by {
            assert(s[k] == row[0][k]);
        }
        assert(s[head.len() as int] == ',');
        lemma_split_at_first_comma(s, head.len() as int);
        assert(s.subrange(0, head.len() as int) =~= head);
        assert(s.subrange(head.len() as int + 1, s.len() as int) =~= rest);
        assert forall|j: int, k: int|
            0 <= j < row.drop_first().len() && 0 <= k < row.drop_first()[j].len() implies #[trigger] row.drop_first()[j][k]
            != ',' by {
            assert(row.drop_first()[j] == row[j + 1]);
        }
        lemma_split_join(row.drop_first());
        assert(seq![head] + split_commas(rest) =~= row);
    }
}

/// Splitting at every occurrence of one separator character: the shape
/// of comma splitting above, at any separator.  Used for the path
/// segments and address parts of the built-in matcher predicates.
pub open spec fn split_sep(s: Seq<char>, sep: char) -> Seq<Seq<char>>
    decreases s.len(),
{
    if s.len() == 0 {
        seq![Seq::<char>::empty()]
    } else if s[0] == sep {
        seq![Seq::<char>::empty()] + split_sep(s.drop_first(), sep)
    } else {
        let rest = split_sep(s.drop_first(), sep);
        seq![seq![s[0]] + rest[0]] + rest.drop_first()
    }
}

pub proof fn lemma_split_sep_len(s: Seq<char>, sep: char)
    ensures
        split_sep(s, sep).len() >= 1,
    decreases s.len(),
{
    if s.len() > 0 {
        lemma_split_sep_len(s.drop_first(), sep);
    }
}

pub proof fn lemma_split_sep_none(s: Seq<char>, sep: char)
    requires
        forall|k: int| 0 <= k < s.len() ==> s[k] != sep,
    ensures
        split_sep(s, sep) == seq![s],
    decreases s.len(),
{
    if s.len() == 0 {
        assert(split_sep(s, sep) =~~= seq![s]);
    } else {
        lemma_split_sep_none(s.drop_first(), sep);
        let rest = split_sep(s.drop_first(), sep);
        assert(rest[0] == s.drop_first());
        assert(seq![s[0]] + rest[0] =~= s);
        assert(split_sep(s, sep) =~~= seq![s]);
    }
}

pub proof fn lemma_split_sep_at_first(s: Seq<char>, sep: char, i: int)
    requires
        0 <= i < s.len(),
        s[i] == sep,
        forall|k: int| 0 <= k < i ==> s[k] != sep,
    ensures
        split_sep(s, sep) == seq![s.subrange(0, i)] + split_sep(
            s.subrange(i + 1, s.len() as int),
            sep,
        ),
    decreases i,
{
    if i == 0 {
        assert(s.subrange(0, 0) =~= Seq::<char>::empty());
        assert(s.subrange(1, s.len() as int) =~= s.drop_first());
    } else {
        let d = s.drop_first();
        lemma_split_sep_at_first(d, sep, i - 1);
        lemma_split_sep_len(d.subrange(i, d.len() as int), sep);
        let rest = split_sep(d, sep);
        assert(d.subrange(0, i - 1) =~= s.subrange(1, i));
        assert(rest[0] == s.subrange(1, i));
        assert(seq![s[0]] + rest[0] =~= s.subrange(0, i));
        assert(d.subrange(i, d.len() as int) =~= s.subrange(i + 1, s.len() as int));
        assert(rest.drop_first() =~= split_sep(s.subrange(i + 1, s.len() as int), sep));
        assert(split_sep(s, sep) =~= seq![s.subrange(0, i)] + split_sep(
            s.subrange(i + 1, s.len() as int),
            sep,
        ));
    }
}

/// The parts of `s` split at every occurrence of `sep`, in order.
pub fn split_sep_str(s: &str, sep: char) -> (r: Vec<String>)
    ensures
        r.deep_view() == split_sep(s@, sep),
    decreases s@.len(),
{
    let n = s.unicode_len();
    let mut i: usize = 0;
    while i < n && s.get_char(i) != sep
        invariant
            n == s@.len(),
            0 <= i <= n,
            forall|k: int| 0 <= k < i ==> s@[k] != sep,
        decreases n - i,
    {
        i += 1;
    }
    if i == n {
        proof {
            lemma_split_sep_none(s@, sep);
        }
        let mut out: Vec<String> = Vec::new();
        out.push(s.to_owned());
        proof {
            assert(out.deep_view() =~= split_sep(s@, sep));
        }
        out
    } else {
        proof {
            lemma_split_sep_at_first(s@, sep, i as int);
        }
        let head = s.substring_char(0, i).to_owned();
        let tail = s.substring_char(i + 1, n);
        let mut out = split_sep_str(tail, sep);
        out.insert(0, head);
        proof {
            assert(out.deep_view() =~~= split_sep(s@, sep));
        }
        out
    }
}

} // verus!
